//! The order book: the price levels of both sides, filed by price key.

use crate::binary64::Binary64;
use crate::error::BookError;
use crate::level::{LevelView, PriceLevel};
use crate::order::{Order, Side};
use crate::price::{Price, SCALER};
use std::collections::HashMap;
use vstd::prelude::*;
use vstd::std_specs::hash::spec_keys_iter;
use vstd::std_specs::iter::IteratorSpec;

verus! {

broadcast use vstd::std_specs::hash::group_hash_axioms;

/// What an order book holds: for each side, the levels by their keys.
pub struct BookView {
    pub bids: Map<Price, LevelView>,
    pub asks: Map<Price, LevelView>,
}

/// The places at which the levels of one side hold an order: a key, and a
/// position in the level filed under it.
pub open spec fn order_positions(levels: Map<Price, LevelView>) -> Set<(Price, int)> {
    Set::new(|at: (Price, int)| levels.contains_key(at.0) && 0 <= at.1 < levels[at.0].orders.len())
}

/// The number of orders that can be reached through the levels of one side.
pub open spec fn order_count(levels: Map<Price, LevelView>) -> nat {
    order_positions(levels).len()
}

/// The levels of one side are well formed: there are finitely many levels
/// and orders, and each level is filed under the key of its own price, holds
/// at least one order, and holds only valid orders of that side.
pub open spec fn side_wf(levels: Map<Price, LevelView>, side: Side) -> bool {
    &&& levels.dom().finite()
    &&& order_positions(levels).finite()
    &&& forall|key: Price| #[trigger]
        levels.contains_key(key) ==> {
            &&& levels[key].wf()
            &&& levels[key].key() == key
            &&& levels[key].orders.len() > 0
            &&& forall|i: int|
                0 <= i < levels[key].orders.len() ==> (#[trigger] levels[key].orders[i]).side
                    == side
        }
}

/// The levels of one side after `order` has come in at `price`: it joins
/// the level of that price's key, which is opened with `price` if there was
/// none.
pub open spec fn side_insert(
    levels: Map<Price, LevelView>,
    price: Binary64,
    order: Order,
) -> Map<Price, LevelView> {
    let key = Price::of(price);
    let level = if levels.contains_key(key) {
        levels[key].push(order)
    } else {
        LevelView { price, orders: seq![order] }
    };
    levels.insert(key, level)
}

impl BookView {
    /// The book without any level.
    pub open spec fn empty() -> BookView {
        BookView { bids: Map::empty(), asks: Map::empty() }
    }

    /// The levels of one side.
    pub open spec fn side(self, side: Side) -> Map<Price, LevelView> {
        match side {
            Side::Bid => self.bids,
            Side::Ask => self.asks,
        }
    }

    /// Both sides are well formed.
    pub open spec fn wf(self) -> bool {
        &&& side_wf(self.bids, Side::Bid)
        &&& side_wf(self.asks, Side::Ask)
    }

    /// Whether an insertion is taken, and why not: a price without a key is
    /// refused first, then a size that is not valid.
    pub open spec fn outcome(price: Binary64, order: Order) -> Result<(), BookError> {
        if !Price::admits(price) {
            Err(BookError::InvalidPrice)
        } else if !order.is_valid() {
            Err(BookError::InvalidSize)
        } else {
            Ok(())
        }
    }

    /// The book after `order` has come in at `price`: the side of the order
    /// changes as `side_insert` says, the other side stays.
    pub open spec fn insert(self, price: Binary64, order: Order) -> BookView {
        match order.side {
            Side::Bid => BookView { bids: side_insert(self.bids, price, order), asks: self.asks },
            Side::Ask => BookView { bids: self.bids, asks: side_insert(self.asks, price, order) },
        }
    }

    /// The book after an attempt to insert: as `insert` says where the
    /// insertion is taken, unchanged where it is refused.
    pub open spec fn apply(self, price: Binary64, order: Order) -> BookView {
        if BookView::outcome(price, order) is Ok {
            self.insert(price, order)
        } else {
            self
        }
    }
}

/// An insertion adds one place to those at which a side holds an order: the
/// end of the level that the order joins.
pub proof fn lemma_side_insert_positions(
    levels: Map<Price, LevelView>,
    price: Binary64,
    order: Order,
)
    ensures
        ({
            let key = Price::of(price);
            let end = if levels.contains_key(key) {
                levels[key].orders.len() as int
            } else {
                0
            };
            &&& !order_positions(levels).contains((key, end))
            &&& order_positions(side_insert(levels, price, order)) == order_positions(
                levels,
            ).insert((key, end))
        }),
{
    let key = Price::of(price);
    let end = if levels.contains_key(key) {
        levels[key].orders.len() as int
    } else {
        0
    };
    let after = side_insert(levels, price, order);
    let expected = order_positions(levels).insert((key, end));
    assert forall|at: (Price, int)|
        order_positions(after).contains(at) <==> expected.contains(at) by {
        if at.0 != key {
            assert(after.contains_key(at.0) <==> levels.contains_key(at.0));
        }
    }
    assert(order_positions(after) =~= expected);
}

/// An insertion into a side with finitely many orders adds one to their
/// number.
pub proof fn lemma_side_insert_count(levels: Map<Price, LevelView>, price: Binary64, order: Order)
    requires
        order_positions(levels).finite(),
    ensures
        order_positions(side_insert(levels, price, order)).finite(),
        order_count(side_insert(levels, price, order)) == order_count(levels) + 1,
{
    lemma_side_insert_positions(levels, price, order);
}

/// Inserting a valid order at a price that has a key keeps a side well
/// formed, if the order is of that side.
pub proof fn lemma_side_insert_wf(levels: Map<Price, LevelView>, price: Binary64, order: Order)
    requires
        side_wf(levels, order.side),
        Price::admits(price),
        order.is_valid(),
    ensures
        side_wf(side_insert(levels, price, order), order.side),
{
    let key = Price::of(price);
    let after = side_insert(levels, price, order);
    lemma_side_insert_count(levels, price, order);
    assert forall|k: Price| #[trigger] after.contains_key(k) implies {
        &&& after[k].wf()
        &&& after[k].key() == k
        &&& after[k].orders.len() > 0
        &&& forall|i: int|
            0 <= i < after[k].orders.len() ==> (#[trigger] after[k].orders[i]).side == order.side
    } by {
        if k == key {
            if levels.contains_key(key) {
                let before = levels[key];
                assert forall|i: int| 0 <= i < after[k].orders.len() implies (
                #[trigger] after[k].orders[i]).is_valid() && after[k].orders[i].side
                    == order.side by {
                    if i < before.orders.len() {
                        assert(after[k].orders[i] == before.orders[i]);
                    }
                }
            }
        } else {
            assert(levels.contains_key(k));
        }
    }
}

/// The levels of one side as they are stored, by the ticks of their keys:
/// each stands under the ticks of the key of its own price, holds at least
/// one order, and holds only valid orders of that side.
spec fn stored_wf(stored: Map<u128, PriceLevel>, side: Side) -> bool {
    &&& order_positions(by_key(stored)).finite()
    &&& forall|t: u128| #[trigger]
        stored.contains_key(t) ==> {
            &&& stored[t]@.wf()
            &&& stored[t]@.key().ticks() == t
            &&& stored[t]@.orders.len() > 0
            &&& forall|i: int|
                0 <= i < stored[t]@.orders.len() ==> (#[trigger] stored[t]@.orders[i]).side == side
        }
}

/// The stored levels of one side, by their keys.
spec fn by_key(stored: Map<u128, PriceLevel>) -> Map<Price, LevelView> {
    Map::new(
        |key: Price| key.wf() && stored.contains_key(key.ticks() as u128),
        |key: Price| stored[key.ticks() as u128]@,
    )
}

/// The ticks under which a level is stored are those of a key, which is
/// found again from them.
proof fn lemma_stored_ticks(stored: Map<u128, PriceLevel>, side: Side, t: u128)
    requires
        stored_wf(stored, side),
        stored.contains_key(t),
    ensures
        Price::from_ticks(t as nat).wf(),
        Price::from_ticks(t as nat).ticks() == t,
        t / (SCALER as u128) <= u64::MAX,
        by_key(stored).contains_key(Price::from_ticks(t as nat)),
{
    Price::lemma_of(stored[t]@.price);
    stored[t]@.key().lemma_from_ticks();
}

/// A list of the stored ticks, each once, gives a list of the keys, each
/// once.
proof fn lemma_keys_listed(
    stored: Map<u128, PriceLevel>,
    side: Side,
    ticks: Seq<u128>,
    keys: Seq<Price>,
)
    requires
        stored_wf(stored, side),
        ticks.no_duplicates(),
        ticks.to_set() == stored.dom(),
        keys.len() == ticks.len(),
        forall|j: int|
            0 <= j < keys.len() ==> #[trigger] keys[j] == Price::from_ticks(ticks[j] as nat),
    ensures
        keys.no_duplicates(),
        keys.to_set() == by_key(stored).dom(),
{
    assert forall|j: int| 0 <= j < ticks.len() implies stored.contains_key(#[trigger] ticks[j]) by {
        assert(ticks.to_set().contains(ticks[j]));
    }
    assert forall|i: int, j: int|
        0 <= i < keys.len() && 0 <= j < keys.len() && i != j implies keys[i] != keys[j] by {
        lemma_stored_ticks(stored, side, ticks[i]);
        lemma_stored_ticks(stored, side, ticks[j]);
    }
    assert forall|key: Price| keys.to_set().contains(key) <==> by_key(stored).dom().contains(
        key,
    ) by {
        if keys.to_set().contains(key) {
            let j = choose|j: int| 0 <= j < keys.len() && keys[j] == key;
            lemma_stored_ticks(stored, side, ticks[j]);
        }
        if by_key(stored).dom().contains(key) {
            let t = key.ticks() as u128;
            key.lemma_from_ticks();
            assert(ticks.to_set().contains(t));
            let j = choose|j: int| 0 <= j < ticks.len() && ticks[j] == t;
            assert(keys[j] == key);
        }
    }
    assert(keys.to_set() =~= by_key(stored).dom());
}

/// Stored levels that are well formed give a well-formed side, with as many
/// levels as are stored.
proof fn lemma_by_key(stored: Map<u128, PriceLevel>, side: Side)
    requires
        stored_wf(stored, side),
        stored.dom().finite(),
    ensures
        side_wf(by_key(stored), side),
        by_key(stored).dom().len() == stored.dom().len(),
{
    let levels = by_key(stored);
    let to_key = |t: u128| Price::from_ticks(t as nat);
    assert forall|t: u128| #[trigger] stored.contains_key(t) implies (to_key(t)).wf() && (to_key(
        t,
    )).ticks() == t by {
        lemma_stored_ticks(stored, side, t);
    }
    assert forall|key: Price| #[trigger] levels.contains_key(key) implies levels[key].key()
        == key by {
        Price::lemma_of(levels[key].price);
        Price::lemma_ticks_injective(levels[key].key(), key);
    }
    assert(vstd::relations::injective_on(to_key, stored.dom())) by {
        assert forall|a: u128, b: u128|
            stored.dom().contains(a) && stored.dom().contains(b) && #[trigger] to_key(a)
                == #[trigger] to_key(b) implies a == b by {
            assert((to_key(a)).ticks() == a);
            assert((to_key(b)).ticks() == b);
        }
    }
    assert(stored.dom().map(to_key) =~= levels.dom()) by {
        assert forall|key: Price| #[trigger]
            levels.dom().contains(key) implies stored.dom().map(to_key).contains(key) by {
            let t = key.ticks() as u128;
            key.lemma_from_ticks();
            assert(stored.dom().contains(t) && to_key(t) == key);
        }
    }
    vstd::set_lib::lemma_map_size(stored.dom(), levels.dom(), to_key);
}

/// Files `order` under `key`, the key of `price`: in the level that stands
/// there, or in one opened with `price`.
fn file_order(stored: &mut HashMap<u128, PriceLevel>, key: Price, price: Binary64, order: Order)
    requires
        stored_wf(old(stored)@, order.side),
        Price::admits(price),
        key == Price::of(price),
        order.is_valid(),
    ensures
        stored_wf(final(stored)@, order.side),
        by_key(final(stored)@) == side_insert(by_key(old(stored)@), price, order),
{
    let ticks: u128 = key.to_ticks();
    let mut level = match stored.remove(&ticks) {
        Some(level) => level,
        None => PriceLevel::open(price),
    };
    level.push(order);
    stored.insert(ticks, level);
    proof {
        Price::lemma_of(price);
        let before = by_key(old(stored)@);
        let after = by_key(final(stored)@);
        let expected = side_insert(before, price, order);
        assert(final(stored)@ == old(stored)@.insert(ticks, level));
        assert forall|k: Price| after.contains_key(k) <==> expected.contains_key(k) by {
            if k.wf() && k.ticks() == ticks {
                Price::lemma_ticks_injective(k, key);
            }
        }
        assert forall|k: Price| #[trigger]
            after.contains_key(k) implies after[k] == expected[k] by {
            if k.ticks() == ticks {
                Price::lemma_ticks_injective(k, key);
                if !before.contains_key(key) {
                    assert(level@.orders =~= seq![order]);
                }
            }
        }
        assert(after =~= expected);
        lemma_side_insert_count(before, price, order);
    }
}

/// An order book: two collections of price levels, one for each side, each
/// with at most one level for a price key.
///
/// A level is stored under its key in ticks, one number that stands for the
/// key one to one.
#[derive(Debug)]
pub struct OrderBook {
    bids: HashMap<u128, PriceLevel>,
    asks: HashMap<u128, PriceLevel>,
}

impl View for OrderBook {
    type V = BookView;

    closed spec fn view(&self) -> BookView {
        BookView { bids: by_key(self.bids@), asks: by_key(self.asks@) }
    }
}

impl OrderBook {
    #[verifier::type_invariant]
    spec fn inv(self) -> bool {
        &&& stored_wf(self.bids@, Side::Bid)
        &&& stored_wf(self.asks@, Side::Ask)
    }

    /// The empty book.
    pub fn new() -> (r: Self)
        ensures
            r@ == BookView::empty(),
            r@.wf(),
    {
        let bids: HashMap<u128, PriceLevel> = HashMap::new();
        let asks: HashMap<u128, PriceLevel> = HashMap::new();
        proof {
            assert(by_key(bids@) =~= Map::empty());
            assert(by_key(asks@) =~= Map::empty());
            assert(order_positions(Map::<Price, LevelView>::empty()) =~= Set::empty());
        }
        OrderBook { bids, asks }
    }

    /// Takes `order` into the book at `price`, on the side the order names:
    /// into the level of the price's key, which is opened with `price` if
    /// the side had none. A price without a key or a size that is not valid
    /// is refused, and the book stays as it was.
    ///
    /// The book is well formed before and after, which includes that every
    /// order rests on its own side.
    pub fn add_order(&mut self, price: Binary64, order: Order) -> (r: Result<(), BookError>)
        ensures
            r == BookView::outcome(price, order),
            r is Ok ==> final(self)@ == old(self)@.insert(price, order),
            r is Err ==> *final(self) == *old(self),
            final(self)@ == old(self)@.apply(price, order),
            old(self)@.wf(),
            final(self)@.wf(),
    {
        proof {
            use_type_invariant(&*self);
            lemma_by_key(self.bids@, Side::Bid);
            lemma_by_key(self.asks@, Side::Ask);
        }
        let key = match Price::new(price) {
            Ok(key) => key,
            Err(e) => {
                return Err(e);
            },
        };
        if !order.is_valid() {
            return Err(BookError::InvalidSize);
        }
        // The levels of the side leave the book while they change, so that
        // the book is whole at every point at which a call could unwind.
        let mut stored: HashMap<u128, PriceLevel> = HashMap::new();
        proof {
            assert(by_key(stored@) =~= Map::empty());
            assert(order_positions(Map::<Price, LevelView>::empty()) =~= Set::empty());
        }
        match order.side {
            Side::Bid => {
                std::mem::swap(&mut stored, &mut self.bids);
                file_order(&mut stored, key, price, order);
                self.bids = stored;
            },
            Side::Ask => {
                std::mem::swap(&mut stored, &mut self.asks);
                file_order(&mut stored, key, price, order);
                self.asks = stored;
            },
        }
        proof {
            lemma_by_key(self.bids@, Side::Bid);
            lemma_by_key(self.asks@, Side::Ask);
        }
        Ok(())
    }

    /// The level filed under `key` on `side`, if there is one.
    pub fn level(&self, side: Side, key: Price) -> (r: Option<&PriceLevel>)
        ensures
            match r {
                Some(level) => {
                    &&& self@.side(side).contains_key(key)
                    &&& level@ == self@.side(side)[key]
                },
                None => !self@.side(side).contains_key(key),
            },
            self@.wf(),
    {
        proof {
            use_type_invariant(self);
            lemma_by_key(self.bids@, Side::Bid);
            lemma_by_key(self.asks@, Side::Ask);
        }
        if key.fractional >= SCALER {
            return None;
        }
        let ticks: u128 = key.to_ticks();
        match side {
            Side::Bid => self.bids.get(&ticks),
            Side::Ask => self.asks.get(&ticks),
        }
    }

    /// The keys of the levels on `side`, each once, in no particular order.
    pub fn prices(&self, side: Side) -> (r: Vec<Price>)
        ensures
            r@.no_duplicates(),
            r@.to_set() == self@.side(side).dom(),
            self@.wf(),
    {
        proof {
            use_type_invariant(self);
            lemma_by_key(self.bids@, Side::Bid);
            lemma_by_key(self.asks@, Side::Ask);
        }
        let stored = match side {
            Side::Bid => &self.bids,
            Side::Ask => &self.asks,
        };
        let mut keys: Vec<Price> = Vec::new();
        for ticks in it: stored.keys()
            invariant
                stored_wf(stored@, side),
                it.seq() == spec_keys_iter(stored).remaining(),
                keys@.len() == it.index(),
                forall|j: int|
                    0 <= j < keys@.len() ==> #[trigger] keys@[j] == Price::from_ticks(
                        *it.seq()[j] as nat,
                    ),
        {
            proof {
                let listed = it.seq().unref();
                assert(listed[it.index()] == *ticks);
                assert(listed.to_set().contains(*ticks));
                lemma_stored_ticks(stored@, side, *ticks);
            }
            keys.push(Price::at_ticks(*ticks));
        }
        proof {
            let listed = spec_keys_iter(stored).remaining();
            assert forall|i: int, j: int|
                0 <= i < listed.len() && 0 <= j < listed.len() && i != j implies listed.unref()[i]
                != listed.unref()[j] by {
                assert(listed[i] != listed[j]);
            }
            lemma_keys_listed(stored@, side, listed.unref(), keys@);
        }
        keys
    }

    /// The number of levels on `side`.
    pub fn level_count(&self, side: Side) -> (r: usize)
        ensures
            r == self@.side(side).dom().len(),
            self@.wf(),
    {
        proof {
            use_type_invariant(self);
            lemma_by_key(self.bids@, Side::Bid);
            lemma_by_key(self.asks@, Side::Ask);
        }
        match side {
            Side::Bid => self.bids.len(),
            Side::Ask => self.asks.len(),
        }
    }
}

} // verus!
