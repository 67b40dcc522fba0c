//! The ways in which an insertion is refused.

use vstd::prelude::*;

verus! {

/// Why an order was not taken into the book. Both are faults of the input:
/// the book is as it was, and stays usable.
#[derive(Clone, Copy, Debug, PartialEq, Eq, Structural)]
pub enum BookError {
    /// The price is a NaN, an infinity, below zero, or has a whole part
    /// beyond 64 bits.
    InvalidPrice,
    /// The size is a NaN, an infinity, zero, or below zero.
    InvalidSize,
}

} // verus!
