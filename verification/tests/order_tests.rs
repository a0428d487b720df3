use orderbook::order::LimitOrder;
use orderbook::price_level::PriceLevel;
use orderbook::side::Side;
use orderbook::transaction::Transaction;
use std::cmp::Ordering;

#[test]
fn orders_compare_by_price_only() {
    let a = LimitOrder { order_id: 1, side: Side::Buy, price: 100, quantity: 5 };
    let b = LimitOrder { order_id: 2, side: Side::Sell, price: 200, quantity: 1 };
    let c = LimitOrder { order_id: 3, side: Side::Sell, price: 100, quantity: 9 };
    assert_eq!(a.cmp(&b), Ordering::Less);
    assert_eq!(b.cmp(&a), Ordering::Greater);
    assert_eq!(a.cmp(&c), Ordering::Equal);
    assert_eq!(a.partial_cmp(&b), Some(Ordering::Less));
    assert_eq!(a.partial_cmp(&c), Some(Ordering::Equal));
    assert!(a < b);
    assert!(a != c);
}

#[test]
fn orders_are_equal_field_by_field() {
    let a = LimitOrder { order_id: 1, side: Side::Buy, price: 100, quantity: 5 };
    let b = a.clone();
    assert!(a == b);
    let c = LimitOrder { side: Side::Sell, ..a };
    assert!(a != c);
    assert!(Side::Buy == Side::Buy.clone());
    assert!(Side::Buy != Side::Sell);
}

#[test]
fn new_price_level_is_empty() {
    let level = PriceLevel::new(12345);
    assert_eq!(level.price, 12345);
    assert!(level.orders.is_empty());
}

#[test]
fn transaction_with_id_is_empty() {
    let t = Transaction::with_id(77);
    assert_eq!(t.transaction_id, 77);
    assert!(t.buy_order_ids.is_empty());
    assert!(t.sell_order_ids.is_empty());
    let r = Transaction::new();
    assert!(r.buy_order_ids.is_empty() && r.sell_order_ids.is_empty());
    let d = Transaction::default();
    assert!(d.buy_order_ids.is_empty() && d.sell_order_ids.is_empty());
}
