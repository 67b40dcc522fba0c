use order_book::binary64::Binary64;
use order_book::error::BookError;
use order_book::level::PriceLevel;
use order_book::order::{Order, Side};

fn num(x: f64) -> Binary64 {
    Binary64::from_bits(x.to_bits())
}

fn sizes(level: &PriceLevel) -> Vec<f64> {
    level.orders().iter().map(|o| f64::from_bits(o.size.to_bits())).collect()
}

#[test]
fn order_keeps_its_side_and_size() {
    let order = Order::new(Side::Ask, num(0.7));
    assert_eq!(order.side, Side::Ask);
    assert_eq!(order.size, num(0.7));
    assert_eq!(f64::from_bits(order.size.to_bits()), 0.7);
    let bid = Order::new(Side::Bid, num(3.0));
    assert_eq!(bid.side, Side::Bid);
    assert_ne!(bid.side, order.side);
}

#[test]
fn order_of_positive_size_is_valid() {
    assert!(Order::new(Side::Bid, num(1.0)).is_valid());
    assert!(Order::new(Side::Ask, num(0.7)).is_valid());
    assert!(Order::new(Side::Bid, num(1e300)).is_valid());
    assert!(Order::new(Side::Bid, num(f64::MAX)).is_valid());
    assert!(Order::new(Side::Bid, num(5e-324)).is_valid());
}

#[test]
fn order_of_other_size_is_not_valid() {
    assert!(!Order::new(Side::Bid, num(0.0)).is_valid());
    assert!(!Order::new(Side::Bid, num(-0.0)).is_valid());
    assert!(!Order::new(Side::Bid, num(-1.0)).is_valid());
    assert!(!Order::new(Side::Bid, num(-5e-324)).is_valid());
    assert!(!Order::new(Side::Bid, num(f64::NAN)).is_valid());
    assert!(!Order::new(Side::Bid, num(f64::INFINITY)).is_valid());
    assert!(!Order::new(Side::Bid, num(f64::NEG_INFINITY)).is_valid());
}

#[test]
fn new_level_is_empty_and_keeps_its_price() {
    let level = PriceLevel::new(num(6.5)).unwrap();
    assert_eq!(level.price(), num(6.5));
    assert!(level.orders().is_empty());
}

#[test]
fn level_is_not_opened_at_a_price_without_a_key() {
    assert_eq!(PriceLevel::new(num(f64::NAN)).err(), Some(BookError::InvalidPrice));
    assert_eq!(PriceLevel::new(num(f64::INFINITY)).err(), Some(BookError::InvalidPrice));
    assert_eq!(PriceLevel::new(num(-6.5)).err(), Some(BookError::InvalidPrice));
    assert_eq!(PriceLevel::new(num(1e20)).err(), Some(BookError::InvalidPrice));
    assert!(PriceLevel::new(num(0.0)).is_ok());
    assert!(PriceLevel::new(num(-0.0)).is_ok());
}

#[test]
fn level_appends_in_the_order_of_arrival() {
    let mut level = PriceLevel::new(num(6.5)).unwrap();
    assert_eq!(level.add_order(Order::new(Side::Bid, num(1.0))), Ok(()));
    assert_eq!(sizes(&level), vec![1.0]);
    assert_eq!(level.add_order(Order::new(Side::Bid, num(3.0))), Ok(()));
    assert_eq!(sizes(&level), vec![1.0, 3.0]);
    assert_eq!(level.add_order(Order::new(Side::Bid, num(2.0))), Ok(()));
    assert_eq!(sizes(&level), vec![1.0, 3.0, 2.0]);
    assert_eq!(level.price(), num(6.5));
}

#[test]
fn level_does_not_merge_equal_sizes() {
    let mut level = PriceLevel::new(num(6.5)).unwrap();
    level.add_order(Order::new(Side::Bid, num(2.0))).unwrap();
    level.add_order(Order::new(Side::Bid, num(2.0))).unwrap();
    assert_eq!(sizes(&level), vec![2.0, 2.0]);
}

#[test]
fn level_refuses_a_size_that_is_not_valid() {
    let mut level = PriceLevel::new(num(6.5)).unwrap();
    level.add_order(Order::new(Side::Bid, num(1.0))).unwrap();
    for bad in [0.0, -0.0, -1.0, f64::NAN, f64::INFINITY, f64::NEG_INFINITY] {
        assert_eq!(level.add_order(Order::new(Side::Bid, num(bad))), Err(BookError::InvalidSize));
        assert_eq!(sizes(&level), vec![1.0]);
        assert_eq!(level.price(), num(6.5));
    }
    // The level is still usable.
    level.add_order(Order::new(Side::Bid, num(4.0))).unwrap();
    assert_eq!(sizes(&level), vec![1.0, 4.0]);
}
