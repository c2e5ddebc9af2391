//! The blocks of a Path ORAM and the buckets of its tree.

use crate::ct::{ct_eq_u64, ct_select_u64};
use crate::tree::TreeIndex;
use crate::{Address, OramBlock};
use vstd::prelude::*;

verus! {

/// The address that dummy blocks carry.
pub const DUMMY_ADDRESS: u64 = 0xffff_ffff_ffff_ffffu64;

/// The position that marks a block as a dummy (no tree node has index 0).
pub const DUMMY_POSITION: u64 = 0u64;

/// A block of a Path ORAM: a value, its logical address and the leaf it is mapped to.
#[derive(Clone, Copy, Debug)]
pub struct PathOramBlock<V> {
    pub value: V,
    pub address: Address,
    pub position: TreeIndex,
}

/// Whether `b` is a dummy block, that is, one whose position is 0.
pub open spec fn is_dummy_block<V>(b: PathOramBlock<V>) -> bool {
    b.position == DUMMY_POSITION
}

/// The dummy block: the default value at the dummy address and position.
pub open spec fn dummy_block<V: OramBlock>() -> PathOramBlock<V> {
    PathOramBlock { value: V::default_value(), address: DUMMY_ADDRESS, position: DUMMY_POSITION }
}

impl<V: OramBlock> PathOramBlock<V> {
    /// Returns a dummy block.
    pub fn dummy() -> (r: Self)
        ensures
            r == dummy_block::<V>(),
    {
        PathOramBlock { value: V::default_block(), address: DUMMY_ADDRESS, position: DUMMY_POSITION }
    }

    /// Whether this block is a dummy, computed in constant time.
    pub fn ct_is_dummy(&self) -> (r: bool)
        ensures
            r == is_dummy_block(*self),
    {
        ct_eq_u64(self.position, DUMMY_POSITION)
    }

    /// Whether this block is a dummy.
    pub fn is_dummy(&self) -> (r: bool)
        ensures
            r == is_dummy_block(*self),
    {
        self.position == DUMMY_POSITION
    }

    /// Returns `a` when `choice` is false and `b` when it is true, in constant time.
    pub fn conditional_select(a: &Self, b: &Self, choice: bool) -> (r: Self)
        ensures
            r == (if choice {
                *b
            } else {
                *a
            }),
    {
        PathOramBlock {
            value: V::conditional_select(&a.value, &b.value, choice),
            address: ct_select_u64(a.address, b.address, choice),
            position: ct_select_u64(a.position, b.position, choice),
        }
    }
}

/// A bucket of `Z` blocks: a node of the Path ORAM tree.
#[derive(Clone, Copy, Debug)]
pub struct Bucket<V, const Z: usize> {
    pub blocks: [PathOramBlock<V>; Z],
}

} // verus!
