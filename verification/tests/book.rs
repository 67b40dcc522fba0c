use order_book::binary64::Binary64;
use order_book::book::OrderBook;
use order_book::error::BookError;
use order_book::order::{Order, Side};
use order_book::price::Price;

fn num(x: f64) -> Binary64 {
    Binary64::from_bits(x.to_bits())
}

fn sizes(book: &OrderBook, side: Side, key: Price) -> Vec<f64> {
    match book.level(side, key) {
        Some(level) => level.orders().iter().map(|o| f64::from_bits(o.size.to_bits())).collect(),
        None => Vec::new(),
    }
}

fn key(integral: u64, fractional: u64) -> Price {
    Price { integral, fractional }
}

#[test]
fn two_orders_at_one_price_share_one_level() {
    let mut book = OrderBook::new();
    assert_eq!(book.add_order(num(6.5), Order::new(Side::Bid, num(1.0))), Ok(()));
    assert_eq!(book.add_order(num(6.5), Order::new(Side::Bid, num(3.0))), Ok(()));
    assert_eq!(book.level_count(Side::Bid), 1);
    assert_eq!(sizes(&book, Side::Bid, key(6, 50_000)), vec![1.0, 3.0]);
    assert_eq!(book.level_count(Side::Ask), 0);
}

#[test]
fn another_price_opens_another_level() {
    let mut book = OrderBook::new();
    book.add_order(num(6.5), Order::new(Side::Bid, num(1.0))).unwrap();
    book.add_order(num(6.5), Order::new(Side::Bid, num(3.0))).unwrap();
    book.add_order(num(1.2), Order::new(Side::Bid, num(3.0))).unwrap();
    assert_eq!(book.level_count(Side::Bid), 2);
    assert_eq!(sizes(&book, Side::Bid, key(6, 50_000)), vec![1.0, 3.0]);
    assert_eq!(sizes(&book, Side::Bid, key(1, 20_000)), vec![3.0]);
    assert_eq!(book.level_count(Side::Ask), 0);
}

#[test]
fn an_ask_leaves_the_bids_alone() {
    let mut book = OrderBook::new();
    book.add_order(num(6.5), Order::new(Side::Bid, num(1.0))).unwrap();
    book.add_order(num(6.5), Order::new(Side::Bid, num(3.0))).unwrap();
    book.add_order(num(1.2), Order::new(Side::Bid, num(3.0))).unwrap();
    book.add_order(num(4.9), Order::new(Side::Ask, num(0.7))).unwrap();
    assert_eq!(book.level_count(Side::Ask), 1);
    assert_eq!(sizes(&book, Side::Ask, key(4, 90_000)), vec![0.7]);
    assert_eq!(book.level_count(Side::Bid), 2);
    assert_eq!(sizes(&book, Side::Bid, key(6, 50_000)), vec![1.0, 3.0]);
    assert!(book.level(Side::Bid, key(4, 90_000)).is_none());
    assert!(book.level(Side::Ask, key(6, 50_000)).is_none());
}

#[test]
fn nan_price_is_refused_and_changes_nothing() {
    let mut book = OrderBook::new();
    book.add_order(num(6.5), Order::new(Side::Bid, num(1.0))).unwrap();
    let r = book.add_order(num(f64::NAN), Order::new(Side::Bid, num(1.0)));
    assert_eq!(r, Err(BookError::InvalidPrice));
    assert_eq!(book.level_count(Side::Bid), 1);
    assert_eq!(book.level_count(Side::Ask), 0);
    assert_eq!(sizes(&book, Side::Bid, key(6, 50_000)), vec![1.0]);
}

#[test]
fn empty_book_has_no_levels() {
    let book = OrderBook::new();
    assert_eq!(book.level_count(Side::Bid), 0);
    assert_eq!(book.level_count(Side::Ask), 0);
    assert!(book.prices(Side::Bid).is_empty());
    assert!(book.prices(Side::Ask).is_empty());
    assert!(book.level(Side::Bid, key(6, 50_000)).is_none());
}

#[test]
fn price_one_tick_above_opens_a_level_of_the_same_whole_part() {
    let mut book = OrderBook::new();
    book.add_order(num(6.5), Order::new(Side::Bid, num(1.0))).unwrap();
    book.add_order(num(6.5), Order::new(Side::Bid, num(3.0))).unwrap();
    book.add_order(num(6.50001), Order::new(Side::Bid, num(1.0))).unwrap();
    assert_eq!(book.level_count(Side::Bid), 2);
    assert_eq!(sizes(&book, Side::Bid, key(6, 50_000)), vec![1.0, 3.0]);
    assert_eq!(sizes(&book, Side::Bid, key(6, 50_001)), vec![1.0]);
    let mut keys = book.prices(Side::Bid);
    keys.sort_by_key(|k| (k.integral, k.fractional));
    assert_eq!(keys, vec![key(6, 50_000), key(6, 50_001)]);
    assert_eq!(book.level_count(Side::Ask), 0);
}

#[test]
fn two_computations_of_one_price_rest_at_one_level() {
    let mut book = OrderBook::new();
    book.add_order(num(0.3), Order::new(Side::Ask, num(1.0))).unwrap();
    book.add_order(num(0.1 + 0.2), Order::new(Side::Ask, num(2.0))).unwrap();
    book.add_order(num(1.2), Order::new(Side::Ask, num(3.0))).unwrap();
    book.add_order(num(0.4 * 3.0), Order::new(Side::Ask, num(4.0))).unwrap();
    assert_eq!(book.level_count(Side::Ask), 2);
    assert_eq!(sizes(&book, Side::Ask, key(0, 30_000)), vec![1.0, 2.0]);
    assert_eq!(sizes(&book, Side::Ask, key(1, 20_000)), vec![3.0, 4.0]);
}

#[test]
fn level_keeps_the_price_that_opened_it() {
    let mut book = OrderBook::new();
    book.add_order(num(6.500003), Order::new(Side::Ask, num(1.0))).unwrap();
    book.add_order(num(6.5), Order::new(Side::Ask, num(2.0))).unwrap();
    book.add_order(num(6.500007), Order::new(Side::Ask, num(3.0))).unwrap();
    assert_eq!(book.level_count(Side::Ask), 1);
    let level = book.level(Side::Ask, key(6, 50_000)).unwrap();
    assert_eq!(level.price(), num(6.500003));
    assert_eq!(sizes(&book, Side::Ask, key(6, 50_000)), vec![1.0, 2.0, 3.0]);
}

#[test]
fn prices_in_one_tick_merge_whatever_their_last_bits() {
    let mut book = OrderBook::new();
    let inputs = [6.5, 6.5 + 1e-15, 6.500001, 6.5000099, 13.0 / 2.0, 6.500009];
    for (i, p) in inputs.iter().enumerate() {
        book.add_order(num(*p), Order::new(Side::Bid, num(i as f64 + 1.0))).unwrap();
    }
    assert_eq!(book.level_count(Side::Bid), 1);
    assert_eq!(book.prices(Side::Bid), vec![key(6, 50_000)]);
    assert_eq!(sizes(&book, Side::Bid, key(6, 50_000)), vec![1.0, 2.0, 3.0, 4.0, 5.0, 6.0]);
}

#[test]
fn invalid_size_is_refused_and_changes_nothing() {
    let mut book = OrderBook::new();
    book.add_order(num(6.5), Order::new(Side::Bid, num(1.0))).unwrap();
    book.add_order(num(4.9), Order::new(Side::Ask, num(0.7))).unwrap();
    for bad in [0.0, -0.0, -1.0, -0.7, f64::NAN, f64::INFINITY, f64::NEG_INFINITY] {
        for side in [Side::Bid, Side::Ask] {
            // At a price that has a level, and at one that has none.
            for price in [6.5, 4.9, 2.0] {
                let r = book.add_order(num(price), Order::new(side, num(bad)));
                assert_eq!(r, Err(BookError::InvalidSize));
                assert_eq!(book.level_count(Side::Bid), 1);
                assert_eq!(book.level_count(Side::Ask), 1);
                assert_eq!(sizes(&book, Side::Bid, key(6, 50_000)), vec![1.0]);
                assert_eq!(sizes(&book, Side::Ask, key(4, 90_000)), vec![0.7]);
            }
        }
    }
}

#[test]
fn invalid_price_is_refused_and_changes_nothing() {
    let mut book = OrderBook::new();
    book.add_order(num(6.5), Order::new(Side::Bid, num(1.0))).unwrap();
    book.add_order(num(4.9), Order::new(Side::Ask, num(0.7))).unwrap();
    for bad in [f64::NAN, f64::INFINITY, f64::NEG_INFINITY, -1.0, -6.5, -1e-300, 1e20, f64::MAX] {
        for side in [Side::Bid, Side::Ask] {
            let r = book.add_order(num(bad), Order::new(side, num(1.0)));
            assert_eq!(r, Err(BookError::InvalidPrice));
            assert_eq!(book.level_count(Side::Bid), 1);
            assert_eq!(book.level_count(Side::Ask), 1);
            assert_eq!(sizes(&book, Side::Bid, key(6, 50_000)), vec![1.0]);
            assert_eq!(sizes(&book, Side::Ask, key(4, 90_000)), vec![0.7]);
        }
    }
}

#[test]
fn invalid_price_is_reported_before_invalid_size() {
    let mut book = OrderBook::new();
    let r = book.add_order(num(f64::NAN), Order::new(Side::Bid, num(0.0)));
    assert_eq!(r, Err(BookError::InvalidPrice));
    let r = book.add_order(num(-1.0), Order::new(Side::Ask, num(f64::NAN)));
    assert_eq!(r, Err(BookError::InvalidPrice));
    assert_eq!(book.level_count(Side::Bid), 0);
    assert_eq!(book.level_count(Side::Ask), 0);
}

#[test]
fn book_is_usable_after_a_refusal() {
    let mut book = OrderBook::new();
    assert!(book.add_order(num(f64::NAN), Order::new(Side::Bid, num(1.0))).is_err());
    assert!(book.add_order(num(6.5), Order::new(Side::Bid, num(0.0))).is_err());
    assert_eq!(book.add_order(num(6.5), Order::new(Side::Bid, num(1.0))), Ok(()));
    assert_eq!(sizes(&book, Side::Bid, key(6, 50_000)), vec![1.0]);
}

#[test]
fn zero_price_is_taken() {
    let mut book = OrderBook::new();
    assert_eq!(book.add_order(num(0.0), Order::new(Side::Bid, num(1.0))), Ok(()));
    assert_eq!(book.add_order(num(-0.0), Order::new(Side::Bid, num(2.0))), Ok(()));
    assert_eq!(book.level_count(Side::Bid), 1);
    assert_eq!(sizes(&book, Side::Bid, key(0, 0)), vec![1.0, 2.0]);
}

#[test]
fn same_price_on_both_sides_gives_a_level_on_each() {
    let mut book = OrderBook::new();
    book.add_order(num(6.5), Order::new(Side::Bid, num(1.0))).unwrap();
    book.add_order(num(6.5), Order::new(Side::Ask, num(2.0))).unwrap();
    book.add_order(num(6.5), Order::new(Side::Bid, num(3.0))).unwrap();
    assert_eq!(book.level_count(Side::Bid), 1);
    assert_eq!(book.level_count(Side::Ask), 1);
    assert_eq!(sizes(&book, Side::Bid, key(6, 50_000)), vec![1.0, 3.0]);
    assert_eq!(sizes(&book, Side::Ask, key(6, 50_000)), vec![2.0]);
}

#[test]
fn every_order_rests_on_its_own_side() {
    let mut book = OrderBook::new();
    let mut n = 0;
    while n < 200 {
        let side = if n % 3 == 0 { Side::Ask } else { Side::Bid };
        let price = (n % 17) as f64 * 0.25 + 1.0;
        book.add_order(num(price), Order::new(side, num(n as f64 + 1.0))).unwrap();
        n += 1;
    }
    for side in [Side::Bid, Side::Ask] {
        for k in book.prices(side) {
            let level = book.level(side, k).unwrap();
            assert!(!level.orders().is_empty());
            for order in level.orders().iter() {
                assert_eq!(order.side, side);
                assert!(order.is_valid());
            }
            assert_eq!(Price::new(level.price()), Ok(k));
        }
    }
}

#[test]
fn orders_on_a_side_are_as_many_as_the_insertions_taken_on_it() {
    let mut book = OrderBook::new();
    let mut taken = [0usize, 0usize];
    let prices = [6.5, 1.2, 4.9, f64::NAN, 6.50001, -1.0, 0.0, 1e20, 7.25];
    let sizes_in = [1.0, 0.0, 3.0, -2.0, 0.7, f64::INFINITY, 5.0];
    let mut n = 0;
    while n < 300 {
        let side = if n % 2 == 0 { Side::Bid } else { Side::Ask };
        let price = prices[n % prices.len()];
        let size = sizes_in[(n / 2) % sizes_in.len()];
        if book.add_order(num(price), Order::new(side, num(size))).is_ok() {
            taken[n % 2] += 1;
        }
        n += 1;
    }
    assert!(taken[0] > 0 && taken[1] > 0);
    for (i, side) in [Side::Bid, Side::Ask].into_iter().enumerate() {
        let keys = book.prices(side);
        assert_eq!(keys.len(), book.level_count(side));
        let total: usize = keys.iter().map(|k| book.level(side, *k).unwrap().orders().len()).sum();
        assert_eq!(total, taken[i]);
    }
}

#[test]
fn prices_lists_each_key_once() {
    let mut book = OrderBook::new();
    let mut n = 0;
    while n < 50 {
        book.add_order(num(n as f64 * 0.5), Order::new(Side::Ask, num(1.0))).unwrap();
        book.add_order(num(n as f64 * 0.5), Order::new(Side::Ask, num(2.0))).unwrap();
        n += 1;
    }
    let mut keys = book.prices(Side::Ask);
    assert_eq!(keys.len(), 50);
    assert_eq!(book.level_count(Side::Ask), 50);
    keys.sort_by_key(|k| (k.integral, k.fractional));
    keys.dedup();
    assert_eq!(keys.len(), 50);
    for (i, k) in keys.iter().enumerate() {
        assert_eq!(*k, key(i as u64 / 2, if i % 2 == 0 { 0 } else { 50_000 }));
        assert_eq!(sizes(&book, Side::Ask, *k), vec![1.0, 2.0]);
    }
    assert!(book.prices(Side::Bid).is_empty());
}

#[test]
fn key_that_no_price_has_finds_no_level() {
    let mut book = OrderBook::new();
    book.add_order(num(1.0), Order::new(Side::Bid, num(1.0))).unwrap();
    // The same number of ticks as the key of 1, written with a fractional
    // part of a whole.
    assert!(book.level(Side::Bid, key(0, 100_000)).is_none());
    assert!(book.level(Side::Bid, key(1, 0)).is_some());
    assert!(book.level(Side::Bid, key(u64::MAX, u64::MAX)).is_none());
}

#[test]
fn largest_key_is_filed_and_found() {
    let mut book = OrderBook::new();
    let largest = Binary64::from_bits(0x43ef_ffff_ffff_ffff);
    book.add_order(largest, Order::new(Side::Ask, num(1.0))).unwrap();
    assert_eq!(sizes(&book, Side::Ask, key(18_446_744_073_709_549_568, 0)), vec![1.0]);
    assert_eq!(book.prices(Side::Ask), vec![key(18_446_744_073_709_549_568, 0)]);
}
