//! Orders and the side of the market they rest on.

use crate::binary64::Binary64;
use vstd::prelude::*;

verus! {

/// The direction of an order: `Bid` is interest to buy, `Ask` to sell.
#[derive(Clone, Copy, Debug, PartialEq, Eq, Structural)]
pub enum Side {
    Bid,
    Ask,
}

/// One resting order: its side and its size, a volume without a unit.
///
/// An order may be built with any size. One whose size is not a positive
/// finite number is refused where it would enter a price level.
#[derive(Clone, Copy, Debug, PartialEq, Eq, Structural)]
pub struct Order {
    pub side: Side,
    pub size: Binary64,
}

impl Order {
    pub fn new(side: Side, size: Binary64) -> (r: Self)
        ensures
            r.side == side,
            r.size == size,
    {
        Order { side, size }
    }

    /// The size is a finite number above zero.
    pub open spec fn spec_is_valid(self) -> bool {
        self.size.is_positive()
    }

    #[verifier::when_used_as_spec(spec_is_valid)]
    pub fn is_valid(self) -> (r: bool)
        ensures
            r == self.spec_is_valid(),
    {
        self.size.is_positive()
    }
}

} // verus!
