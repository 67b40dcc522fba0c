//! Price levels: the orders resting at one price.

use crate::binary64::Binary64;
use crate::error::BookError;
use crate::order::Order;
use crate::price::Price;
use vstd::prelude::*;

verus! {

/// What a price level holds: the price it was opened with, and its orders
/// from the first that came to the last.
pub struct LevelView {
    pub price: Binary64,
    pub orders: Seq<Order>,
}

impl LevelView {
    /// The price has a key, and every order has a valid size.
    pub open spec fn wf(self) -> bool {
        &&& Price::admits(self.price)
        &&& forall|i: int| 0 <= i < self.orders.len() ==> (#[trigger] self.orders[i]).is_valid()
    }

    /// The key under which the level is filed.
    pub open spec fn key(self) -> Price {
        Price::of(self.price)
    }

    /// The level after `order` has joined it.
    pub open spec fn push(self, order: Order) -> LevelView {
        LevelView { price: self.price, orders: self.orders.push(order) }
    }
}

/// All orders resting at one price. The price is the one the level was
/// opened with; orders are only ever added, at the end.
#[derive(Debug)]
pub struct PriceLevel {
    price: Binary64,
    orders: Vec<Order>,
}

impl View for PriceLevel {
    type V = LevelView;

    closed spec fn view(&self) -> LevelView {
        LevelView { price: self.price, orders: self.orders@ }
    }
}

impl PriceLevel {
    #[verifier::type_invariant]
    spec fn inv(self) -> bool {
        self@.wf()
    }

    /// Opens an empty level at a price that has a key.
    pub(crate) fn open(price: Binary64) -> (r: Self)
        requires
            Price::admits(price),
        ensures
            r@ == (LevelView { price, orders: Seq::empty() }),
    {
        PriceLevel { price, orders: Vec::new() }
    }

    /// Adds an order of valid size at the end of the level.
    pub(crate) fn push(&mut self, order: Order)
        requires
            order.is_valid(),
        ensures
            final(self)@ == old(self)@.push(order),
            old(self)@.wf(),
            final(self)@.wf(),
    {
        proof {
            use_type_invariant(&*self);
        }
        // The orders leave the level while they grow, so that the level is
        // whole at every point at which the push could unwind.
        let mut orders: Vec<Order> = Vec::new();
        std::mem::swap(&mut orders, &mut self.orders);
        orders.push(order);
        assert forall|i: int| 0 <= i < orders@.len() implies (#[trigger] orders@[i]).is_valid() by {
            if i < old(self)@.orders.len() {
                assert(orders@[i] == old(self)@.orders[i]);
            }
        }
        self.orders = orders;
    }

    /// Opens an empty level at `price`, or refuses a price that has no key.
    pub fn new(price: Binary64) -> (r: Result<Self, BookError>)
        ensures
            match r {
                Ok(level) => Price::admits(price) && level@ == (LevelView {
                    price,
                    orders: Seq::empty(),
                }),
                Err(e) => !Price::admits(price) && e == BookError::InvalidPrice,
            },
    {
        match Price::new(price) {
            Ok(_) => Ok(PriceLevel::open(price)),
            Err(e) => Err(e),
        }
    }

    /// Adds `order` at the end of the level, or refuses one whose size is not
    /// valid and leaves the level as it was.
    pub fn add_order(&mut self, order: Order) -> (r: Result<(), BookError>)
        ensures
            match r {
                Ok(_) => order.is_valid() && final(self)@ == old(self)@.push(order),
                Err(e) => !order.is_valid() && e == BookError::InvalidSize && *final(self) == *old(
                    self,
                ),
            },
            old(self)@.wf(),
            final(self)@.wf(),
    {
        proof {
            use_type_invariant(&*self);
        }
        if !order.is_valid() {
            return Err(BookError::InvalidSize);
        }
        self.push(order);
        Ok(())
    }

    /// The price the level was opened with.
    pub fn price(&self) -> (r: Binary64)
        ensures
            r == self@.price,
            self@.wf(),
    {
        proof {
            use_type_invariant(self);
        }
        self.price
    }

    /// The orders of the level, in the order in which they were added.
    pub fn orders(&self) -> (r: &Vec<Order>)
        ensures
            r@ == self@.orders,
            self@.wf(),
    {
        proof {
            use_type_invariant(self);
        }
        &self.orders
    }
}

} // verus!
