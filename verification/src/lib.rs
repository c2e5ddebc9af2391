//! Oblivious RAM building blocks: a linear-scan ORAM and the stash of a
//! (batched) Path ORAM, with their contracts proved by Verus.

pub mod batch;
pub mod block;
mod ct;
pub mod evict;
pub mod experiment;
pub mod linear_time_oram;
pub mod sort;
pub mod stash;
pub mod tree;
pub mod union;

use vstd::prelude::*;

verus! {

/// A logical address of an ORAM block.
pub type Address = u64;

/// A size of a stash, in blocks.
pub type StashSize = u64;

/// The number of blocks in a bucket of a Path ORAM tree.
pub type BucketSize = usize;

/// The size in bytes of a `BlockValue`.
pub type BlockSize = usize;

/// The errors that the ORAM operations report.
#[derive(Debug)]
pub enum OramError {
    /// A value did not fit in the integer type it had to be converted to.
    IntegerConversionError,
    /// An address at or beyond the capacity of the ORAM was requested.
    AddressOutOfBoundsError { attempted: Address, capacity: Address },
    /// A parameter, or a value returned by a callback, was not acceptable.
    InvalidConfigurationError { parameter_name: String, parameter_value: String },
}

/// The character of decimal digit `d`.
pub open spec fn decimal_digit(d: nat) -> char {
    (48 + d) as char
}

/// `n` written in decimal, most significant digit first, without sign or padding.
pub open spec fn decimal(n: nat) -> Seq<char>
    decreases n,
{
    if n < 10 {
        seq![decimal_digit(n)]
    } else {
        decimal(n / 10).push(decimal_digit(n % 10))
    }
}

/// The message `"expected {expected}, got {got}"`.
pub open spec fn expected_got_text(expected: nat, got: nat) -> Seq<char> {
    "expected "@ + decimal(expected) + ", got "@ + decimal(got)
}

/// The message `"addresses has length {a}, but new_positions has length {p}"`.
pub open spec fn input_lengths_text(a: nat, p: nat) -> Seq<char> {
    "addresses has length "@ + decimal(a) + ", but new_positions has length "@ + decimal(p)
}

/// Writes `n` in decimal with `ToString::to_string`, that is, with the `Display` of `usize`.
/// Trusted: `std` documents that integers display as their decimal digits, with no sign,
/// padding or separators unless a format asks for them.
#[verifier::external_body]
fn decimal_text(n: usize) -> (r: String)
    ensures
        r@ == decimal(n as nat),
{
    n.to_string()
}

/// Builds the message of a length mismatch.
pub(crate) fn format_expected_got(expected: usize, got: usize) -> (r: String)
    ensures
        r@ == expected_got_text(expected as nat, got as nat),
{
    let mut message = String::from_str("expected ");
    let e = decimal_text(expected);
    message.append(e.as_str());
    message.append(", got ");
    let g = decimal_text(got);
    message.append(g.as_str());
    message
}

/// Builds the message of two input lists of unequal lengths.
pub(crate) fn format_input_lengths(a: usize, p: usize) -> (r: String)
    ensures
        r@ == input_lengths_text(a as nat, p as nat),
{
    let mut message = String::from_str("addresses has length ");
    let a_text = decimal_text(a);
    message.append(a_text.as_str());
    message.append(", but new_positions has length ");
    let p_text = decimal_text(p);
    message.append(p_text.as_str());
    message
}

/// The values that an ORAM stores: copyable, with a default value and a
/// constant-time selection.
pub trait OramBlock: Copy + Sized {
    /// The value of a block that was never written.
    spec fn default_value() -> Self;

    /// Returns the value of a block that was never written.
    fn default_block() -> (r: Self)
        ensures
            r == Self::default_value(),
    ;

    /// Returns `a` when `choice` is false and `b` when it is true, in constant time.
    fn conditional_select(a: &Self, b: &Self, choice: bool) -> (r: Self)
        ensures
            r == (if choice {
                *b
            } else {
                *a
            }),
    ;
}

/// A block of `B` bytes.
#[derive(Clone, Copy, Debug, PartialEq, Eq)]
pub struct BlockValue<const B: usize> {
    pub data: [u8; B],
}

impl<const B: usize> BlockValue<B> {
    /// Wraps `data` as a block.
    pub fn new(data: [u8; B]) -> (r: Self)
        ensures
            r.data == data,
    {
        BlockValue { data }
    }
}

impl<const B: usize> OramBlock for BlockValue<B> {
    open spec fn default_value() -> Self {
        BlockValue { data: vstd::array::spec_array_fill_for_copy_type::<u8, B>(0u8) }
    }

    fn default_block() -> (r: Self) {
        BlockValue { data: vstd::array::array_fill_for_copy_types::<u8, B>(0u8) }
    }

    fn conditional_select(a: &Self, b: &Self, choice: bool) -> (r: Self) {
        let mut data: [u8; B] = a.data;
        let mut i: usize = 0;
        while i < B
            invariant
                i <= B,
                forall|j: int| 0 <= j < i ==> data[j] == (if choice { b.data[j] } else { a.data[j] }),
                forall|j: int| i <= j < B ==> data[j] == a.data[j],
            decreases B - i,
        {
            data[i] = crate::ct::ct_select_u8(a.data[i], b.data[i], choice);
            i = i + 1;
        }
        proof {
            if choice {
                assert(data =~= b.data);
            } else {
                assert(data =~= a.data);
            }
        }
        BlockValue { data }
    }
}

} // verus!
