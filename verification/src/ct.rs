//! Constant-time comparisons and selections, taken from the `subtle` crate.
//!
//! Each function here converts `subtle`'s `Choice` to and from `bool` at its
//! boundary, so that the rest of the library can state its contracts over
//! booleans.

use subtle::{Choice, ConditionallySelectable, ConstantTimeEq, ConstantTimeLess};
use vstd::prelude::*;

verus! {

/// Compares two `u64` values with `subtle`'s `ConstantTimeEq::ct_eq`.
/// Trusted: `subtle` documents the result as set exactly when the values are equal.
#[verifier::external_body]
pub(crate) fn ct_eq_u64(a: u64, b: u64) -> (r: bool)
    ensures
        r == (a == b),
{
    bool::from(a.ct_eq(&b))
}

/// Compares two `u64` values with `subtle`'s `ConstantTimeLess::ct_lt`.
/// Trusted: `subtle` documents the result as set exactly when `a < b`.
#[verifier::external_body]
pub(crate) fn ct_lt_u64(a: u64, b: u64) -> (r: bool)
    ensures
        r == (a < b),
{
    bool::from(a.ct_lt(&b))
}

/// Selects between two `u64` values with `subtle`'s
/// `ConditionallySelectable::conditional_select`.
/// Trusted: `subtle` documents the result as `a` when the choice is 0 and `b` when it is 1.
#[verifier::external_body]
pub(crate) fn ct_select_u64(a: u64, b: u64, choice: bool) -> (r: u64)
    ensures
        r == (if choice { b } else { a }),
{
    u64::conditional_select(&a, &b, Choice::from(choice as u8))
}

/// Selects between two `u8` values with `subtle`'s
/// `ConditionallySelectable::conditional_select`.
/// Trusted: `subtle` documents the result as `a` when the choice is 0 and `b` when it is 1.
#[verifier::external_body]
pub(crate) fn ct_select_u8(a: u8, b: u8, choice: bool) -> (r: u8)
    ensures
        r == (if choice { b } else { a }),
{
    u8::conditional_select(&a, &b, Choice::from(choice as u8))
}

} // verus!
