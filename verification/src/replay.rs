//! Sequences of insertions, and what holds of a book after any of them.

use crate::binary64::Binary64;
use crate::book::{
    lemma_side_insert_count, lemma_side_insert_wf, order_count, order_positions, side_insert,
    BookView,
};
use crate::level::LevelView;
use crate::order::{Order, Side};
use crate::price::Price;
use vstd::prelude::*;

verus! {

/// One attempt to insert: the order, and the price it comes in at.
pub struct Insertion {
    pub price: Binary64,
    pub order: Order,
}

impl Insertion {
    /// Whether the book takes the insertion.
    pub open spec fn taken(self) -> bool {
        BookView::outcome(self.price, self.order) is Ok
    }
}

/// The book after the insertions in `steps` were attempted on `book`, one
/// after the other.
pub open spec fn replay(book: BookView, steps: Seq<Insertion>) -> BookView
    decreases steps.len(),
{
    if steps.len() == 0 {
        book
    } else {
        replay(book, steps.drop_last()).apply(steps.last().price, steps.last().order)
    }
}

/// The number of insertions in `steps` that name `side` and are taken.
pub open spec fn taken_on(steps: Seq<Insertion>, side: Side) -> nat
    decreases steps.len(),
{
    if steps.len() == 0 {
        0
    } else if steps.last().taken() && steps.last().order.side == side {
        taken_on(steps.drop_last(), side) + 1
    } else {
        taken_on(steps.drop_last(), side)
    }
}

/// One more attempt is one more step: the book after `steps` and then
/// `next` is the book after `steps`, with `next` applied; and `next` is
/// counted on its side if it is taken.
pub proof fn lemma_replay_push(book: BookView, steps: Seq<Insertion>, next: Insertion)
    ensures
        replay(book, Seq::empty()) == book,
        replay(book, steps.push(next)) == replay(book, steps).apply(next.price, next.order),
        taken_on(Seq::empty(), Side::Bid) == 0,
        taken_on(Seq::empty(), Side::Ask) == 0,
        forall|side: Side|
            #[trigger] taken_on(steps.push(next), side) == taken_on(steps, side) + if next.taken()
                && next.order.side == side {
                1nat
            } else {
                0nat
            },
{
    assert(steps.push(next).drop_last() =~= steps);
}

/// The orders of `steps`, in their order.
pub open spec fn orders_of(steps: Seq<Insertion>) -> Seq<Order> {
    Seq::new(steps.len(), |i: int| steps[i].order)
}

/// The orders that `levels` hold under `key`: none where no level is filed
/// there.
pub open spec fn orders_at(levels: Map<Price, LevelView>, key: Price) -> Seq<Order> {
    if levels.contains_key(key) {
        levels[key].orders
    } else {
        Seq::empty()
    }
}

/// The other side.
pub open spec fn opposite(side: Side) -> Side {
    match side {
        Side::Bid => Side::Ask,
        Side::Ask => Side::Bid,
    }
}

/// An attempt to insert keeps a well-formed book well formed, whether it is
/// taken or refused.
pub proof fn lemma_apply_wf(book: BookView, price: Binary64, order: Order)
    requires
        book.wf(),
    ensures
        book.apply(price, order).wf(),
{
    if BookView::outcome(price, order) is Ok {
        lemma_side_insert_wf(book.side(order.side), price, order);
    }
}

/// Any sequence of insertions keeps a well-formed book well formed.
pub proof fn lemma_replay_wf(book: BookView, steps: Seq<Insertion>)
    requires
        book.wf(),
    ensures
        replay(book, steps).wf(),
    decreases steps.len(),
{
    if steps.len() > 0 {
        lemma_replay_wf(book, steps.drop_last());
        lemma_apply_wf(replay(book, steps.drop_last()), steps.last().price, steps.last().order);
    }
}

/// Side isolation: after any sequence of insertions into the empty book,
/// every order that is reached through the bids is a bid, and every order
/// that is reached through the asks is an ask.
pub proof fn lemma_sides_are_isolated(steps: Seq<Insertion>)
    ensures
        ({
            let book = replay(BookView::empty(), steps);
            &&& forall|key: Price, i: int|
                book.bids.contains_key(key) && 0 <= i < book.bids[key].orders.len()
                    ==> #[trigger] book.bids[key].orders[i].side == Side::Bid
            &&& forall|key: Price, i: int|
                book.asks.contains_key(key) && 0 <= i < book.asks[key].orders.len()
                    ==> #[trigger] book.asks[key].orders[i].side == Side::Ask
        }),
{
    lemma_empty_wf();
    lemma_replay_wf(BookView::empty(), steps);
}

/// The empty book is well formed, and holds no order.
pub proof fn lemma_empty_wf()
    ensures
        BookView::empty().wf(),
        order_count(BookView::empty().bids) == 0,
        order_count(BookView::empty().asks) == 0,
{
    assert(order_positions(Map::<Price, LevelView>::empty()) =~= Set::empty());
}

/// Append completeness: a sequence of insertions adds to each side of a
/// well-formed book as many orders as it has insertions that name the side
/// and are taken.
pub proof fn lemma_replay_count(book: BookView, steps: Seq<Insertion>, side: Side)
    requires
        book.wf(),
    ensures
        order_count(replay(book, steps).side(side)) == order_count(book.side(side)) + taken_on(
            steps,
            side,
        ),
    decreases steps.len(),
{
    if steps.len() > 0 {
        let before = replay(book, steps.drop_last());
        let last = steps.last();
        lemma_replay_count(book, steps.drop_last(), side);
        lemma_replay_wf(book, steps.drop_last());
        if last.taken() && last.order.side == side {
            lemma_side_insert_count(before.side(side), last.price, last.order);
        }
    }
}

/// Append completeness, from the empty book: the orders that are reached
/// through a side are as many as the insertions that were taken on it.
pub proof fn lemma_count_is_insertions_taken(steps: Seq<Insertion>, side: Side)
    ensures
        order_count(replay(BookView::empty(), steps).side(side)) == taken_on(steps, side),
{
    lemma_empty_wf();
    lemma_replay_count(BookView::empty(), steps, side);
}

/// Level uniqueness: insertions that are all taken, on one side and at
/// prices of one key, end in one level under that key. It holds what was
/// filed there before and then the orders of the insertions, in their order;
/// the other levels of the side, and the other side, are as they were.
pub proof fn lemma_one_level_per_key(
    book: BookView,
    steps: Seq<Insertion>,
    side: Side,
    key: Price,
)
    requires
        steps.len() > 0,
        forall|i: int|
            0 <= i < steps.len() ==> {
                &&& (#[trigger] steps[i]).taken()
                &&& steps[i].order.side == side
                &&& Price::of(steps[i].price) == key
            },
    ensures
        ({
            let before = book.side(side);
            let after = replay(book, steps).side(side);
            &&& after.dom() == before.dom().insert(key)
            &&& after[key].orders == orders_at(before, key) + orders_of(steps)
            &&& forall|other: Price|
                other != key && before.contains_key(other) ==> #[trigger] after[other]
                    == before[other]
            &&& replay(book, steps).side(opposite(side)) == book.side(opposite(side))
        }),
    decreases steps.len(),
{
    let rest = steps.drop_last();
    let last = steps.last();
    let before = book.side(side);
    let middle = replay(book, rest).side(side);
    let after = replay(book, steps).side(side);
    assert(last.taken() && last.order.side == side && Price::of(last.price) == key);
    assert(after == side_insert(middle, last.price, last.order));
    if rest.len() > 0 {
        assert forall|i: int| 0 <= i < rest.len() implies {
            &&& (#[trigger] rest[i]).taken()
            &&& rest[i].order.side == side
            &&& Price::of(rest[i].price) == key
        } by {
            assert(rest[i] == steps[i]);
        }
        lemma_one_level_per_key(book, rest, side, key);
        assert(orders_of(steps) =~= orders_of(rest).push(last.order));
        assert(after[key].orders =~= orders_at(before, key) + orders_of(steps));
    } else {
        assert(orders_of(steps) =~= seq![last.order]);
        assert(after[key].orders =~= orders_at(before, key) + orders_of(steps));
    }
    assert(after.dom() =~= before.dom().insert(key));
}

/// From the empty book, such insertions end in exactly one level on their
/// side, which holds exactly their orders, in their order.
pub proof fn lemma_one_level_from_empty(steps: Seq<Insertion>, side: Side, key: Price)
    requires
        steps.len() > 0,
        forall|i: int|
            0 <= i < steps.len() ==> {
                &&& (#[trigger] steps[i]).taken()
                &&& steps[i].order.side == side
                &&& Price::of(steps[i].price) == key
            },
    ensures
        ({
            let after = replay(BookView::empty(), steps).side(side);
            &&& after.dom() == set![key]
            &&& after.dom().len() == 1
            &&& after[key].orders == orders_of(steps)
        }),
{
    lemma_one_level_per_key(BookView::empty(), steps, side, key);
    let after = replay(BookView::empty(), steps).side(side);
    assert(after.dom() =~= set![key]);
    assert(after[key].orders =~= orders_of(steps));
}

} // verus!
