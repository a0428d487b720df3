use orderbook::book::OrderBook;
use orderbook::order::LimitOrder;
use orderbook::side::Side;

fn order(order_id: u64, side: Side, price: u64, quantity: u64) -> LimitOrder {
    LimitOrder { order_id, side, price, quantity }
}

fn ids(orders: &[LimitOrder]) -> Vec<u64> {
    orders.iter().map(|o| o.order_id).collect()
}

fn level_summary(levels: &[(u64, Vec<LimitOrder>)]) -> Vec<(u64, Vec<(u64, u64)>)> {
    levels
        .iter()
        .map(|(p, os)| (*p, os.iter().map(|o| (o.order_id, o.quantity)).collect()))
        .collect()
}

#[test]
fn new_book_is_empty() {
    let book = OrderBook::new();
    assert!(book.buy_levels().is_empty());
    assert!(book.sell_levels().is_empty());
    assert!(book.completed_orders().is_empty());
    assert!(book.completed_transactions().is_empty());
    let default_book = OrderBook::default();
    assert!(default_book.buy_levels().is_empty());
}

#[test]
fn unmatched_orders_rest_at_their_price() {
    let mut book = OrderBook::new();
    book.add_order_with_transaction_id(order(1, Side::Buy, 100, 5), 11);
    book.add_order_with_transaction_id(order(2, Side::Sell, 110, 7), 12);
    book.add_order_with_transaction_id(order(3, Side::Buy, 100, 2), 13);
    assert_eq!(level_summary(&book.buy_levels()), vec![(100, vec![(1, 5), (3, 2)])]);
    assert_eq!(level_summary(&book.sell_levels()), vec![(110, vec![(2, 7)])]);
    assert!(book.completed_orders().is_empty());
    assert!(book.completed_transactions().is_empty());
}

#[test]
fn levels_come_out_lowest_price_first() {
    let mut book = OrderBook::new();
    book.add_order_with_transaction_id(order(1, Side::Buy, 105, 1), 1);
    book.add_order_with_transaction_id(order(2, Side::Buy, 100, 1), 2);
    book.add_order_with_transaction_id(order(3, Side::Buy, 103, 1), 3);
    let prices: Vec<u64> = book.buy_levels().iter().map(|(p, _)| *p).collect();
    assert_eq!(prices, vec![100, 103, 105]);
}

#[test]
fn sell_partially_filling_a_buy_leaves_it_reduced_at_the_front() {
    let mut book = OrderBook::new();
    book.add_order_with_transaction_id(order(1, Side::Buy, 100, 10), 1);
    book.add_order_with_transaction_id(order(2, Side::Sell, 100, 4), 2);
    assert_eq!(level_summary(&book.buy_levels()), vec![(100, vec![(1, 6)])]);
    assert!(book.sell_levels().is_empty());
    assert_eq!(ids(book.completed_orders()), vec![2]);
    let t = book.completed_transactions().get(&2).unwrap();
    assert_eq!(t.transaction_id, 2);
    assert_eq!(t.buy_order_ids, vec![1]);
    assert_eq!(t.sell_order_ids, vec![2]);
}

#[test]
fn exact_fill_leaves_the_next_order_in_place() {
    let mut book = OrderBook::new();
    book.add_order_with_transaction_id(order(1, Side::Buy, 100, 2), 1);
    book.add_order_with_transaction_id(order(3, Side::Buy, 100, 4), 3);
    book.add_order_with_transaction_id(order(2, Side::Sell, 100, 2), 7);
    assert_eq!(level_summary(&book.buy_levels()), vec![(100, vec![(3, 4)])]);
    assert_eq!(ids(book.completed_orders()), vec![1, 2]);
    let t = book.completed_transactions().get(&7).unwrap();
    assert_eq!(t.buy_order_ids, vec![1]);
    assert_eq!(t.sell_order_ids, vec![2]);
}

#[test]
fn unfilled_part_of_a_sell_rests() {
    let mut book = OrderBook::new();
    book.add_order_with_transaction_id(order(1, Side::Buy, 100, 4), 1);
    book.add_order_with_transaction_id(order(2, Side::Sell, 100, 10), 2);
    assert!(book.buy_levels().is_empty());
    assert_eq!(level_summary(&book.sell_levels()), vec![(100, vec![(2, 6)])]);
    assert_eq!(ids(book.completed_orders()), vec![1]);
    assert_eq!(book.completed_transactions().len(), 1);
    let t = book.completed_transactions().get(&2).unwrap();
    assert_eq!(t.buy_order_ids, vec![1]);
    assert_eq!(t.sell_order_ids, vec![2]);
}

#[test]
fn sell_meets_the_highest_buyer_first() {
    let mut book = OrderBook::new();
    book.add_order_with_transaction_id(order(1, Side::Buy, 100, 5), 1);
    book.add_order_with_transaction_id(order(2, Side::Buy, 101, 5), 2);
    book.add_order_with_transaction_id(order(3, Side::Sell, 100, 5), 3);
    assert_eq!(level_summary(&book.buy_levels()), vec![(100, vec![(1, 5)])]);
    assert!(book.sell_levels().is_empty());
    assert_eq!(ids(book.completed_orders()), vec![2, 3]);
    let t = book.completed_transactions().get(&3).unwrap();
    assert_eq!(t.buy_order_ids, vec![2]);
    assert_eq!(t.sell_order_ids, vec![3]);
}

#[test]
fn sell_sweeps_buy_levels_downward_to_its_price() {
    let mut book = OrderBook::new();
    book.add_order_with_transaction_id(order(1, Side::Buy, 100, 2), 1);
    book.add_order_with_transaction_id(order(2, Side::Buy, 105, 2), 2);
    book.add_order_with_transaction_id(order(4, Side::Buy, 95, 9), 4);
    book.add_order_with_transaction_id(order(3, Side::Sell, 100, 3), 3);
    assert_eq!(level_summary(&book.buy_levels()), vec![(95, vec![(4, 9)]), (100, vec![(1, 1)])]);
    assert_eq!(ids(book.completed_orders()), vec![2, 3]);
    let t = book.completed_transactions().get(&3).unwrap();
    assert_eq!(t.buy_order_ids, vec![2, 1]);
    assert_eq!(t.sell_order_ids, vec![3]);
}

#[test]
fn buy_filling_a_sell_completely_empties_its_level() {
    let mut book = OrderBook::new();
    book.add_order_with_transaction_id(order(1, Side::Sell, 100, 5), 1);
    book.add_order_with_transaction_id(order(2, Side::Buy, 100, 5), 2);
    assert!(book.sell_levels().is_empty());
    assert!(book.buy_levels().is_empty());
    assert_eq!(ids(book.completed_orders()), vec![1, 2]);
    assert_eq!(book.completed_transactions().len(), 1);
    let t = book.completed_transactions().get(&2).unwrap();
    assert_eq!(t.buy_order_ids, vec![2]);
    assert_eq!(t.sell_order_ids, vec![1]);
}

#[test]
fn buy_meets_the_lowest_sellers_first() {
    let mut book = OrderBook::new();
    book.add_order_with_transaction_id(order(1, Side::Sell, 99, 1), 1);
    book.add_order_with_transaction_id(order(5, Side::Sell, 100, 10), 5);
    book.add_order_with_transaction_id(order(2, Side::Buy, 100, 4), 42);
    assert_eq!(level_summary(&book.sell_levels()), vec![(100, vec![(5, 7)])]);
    assert_eq!(ids(book.completed_orders()), vec![1, 2]);
    let t = book.completed_transactions().get(&42).unwrap();
    assert_eq!(t.buy_order_ids, vec![2]);
    assert_eq!(t.sell_order_ids, vec![1, 5]);
}

#[test]
fn buy_ignores_sells_priced_above_it() {
    let mut book = OrderBook::new();
    book.add_order_with_transaction_id(order(1, Side::Sell, 101, 3), 1);
    book.add_order_with_transaction_id(order(2, Side::Buy, 100, 3), 2);
    assert_eq!(level_summary(&book.sell_levels()), vec![(101, vec![(1, 3)])]);
    assert_eq!(level_summary(&book.buy_levels()), vec![(100, vec![(2, 3)])]);
    assert!(book.completed_orders().is_empty());
}

#[test]
fn resting_buys_are_kept_after_the_sells_are_gone() {
    let mut book = OrderBook::new();
    book.add_order_with_transaction_id(order(1, Side::Sell, 100, 5), 1);
    book.add_order_with_transaction_id(order(2, Side::Buy, 100, 5), 2);
    book.add_order_with_transaction_id(order(3, Side::Buy, 100, 5), 3);
    book.add_order_with_transaction_id(order(4, Side::Buy, 100, 2), 4);
    assert_eq!(level_summary(&book.buy_levels()), vec![(100, vec![(3, 5), (4, 2)])]);
    assert!(book.sell_levels().is_empty());
}

#[test]
fn zero_quantity_sell_completes_and_touches_nothing() {
    let mut book = OrderBook::new();
    book.add_order_with_transaction_id(order(1, Side::Buy, 100, 3), 1);
    book.add_order_with_transaction_id(order(2, Side::Sell, 100, 0), 2);
    assert_eq!(level_summary(&book.buy_levels()), vec![(100, vec![(1, 3)])]);
    assert_eq!(ids(book.completed_orders()), vec![2]);
    assert!(book.completed_transactions().is_empty());
}

#[test]
fn add_order_records_a_transaction_under_a_drawn_id() {
    let mut book = OrderBook::new();
    book.add_order(order(1, Side::Buy, 100, 5));
    book.add_order(order(2, Side::Sell, 100, 5));
    assert_eq!(book.completed_transactions().len(), 1);
    let (id, t) = book.completed_transactions().iter().next().unwrap();
    assert_eq!(*id, t.transaction_id);
    assert_eq!(t.buy_order_ids, vec![1]);
    assert_eq!(t.sell_order_ids, vec![2]);
    assert!(book.buy_levels().is_empty());
}

#[test]
fn transaction_with_same_id_replaces_the_earlier_one() {
    let mut book = OrderBook::new();
    book.add_order_with_transaction_id(order(1, Side::Buy, 100, 1), 9);
    book.add_order_with_transaction_id(order(2, Side::Sell, 100, 1), 9);
    book.add_order_with_transaction_id(order(3, Side::Buy, 100, 1), 9);
    book.add_order_with_transaction_id(order(4, Side::Sell, 100, 1), 9);
    assert_eq!(book.completed_transactions().len(), 1);
    let t = book.completed_transactions().get(&9).unwrap();
    assert_eq!(t.buy_order_ids, vec![3]);
    assert_eq!(t.sell_order_ids, vec![4]);
}

#[test]
fn book_stays_uncrossed_on_a_sequence_of_orders() {
    let mut book = OrderBook::new();
    let orders = [
        order(1, Side::Buy, 100, 5),
        order(2, Side::Sell, 103, 4),
        order(3, Side::Buy, 104, 2),
        order(4, Side::Sell, 99, 10),
        order(5, Side::Buy, 101, 1),
        order(6, Side::Sell, 102, 3),
        order(7, Side::Buy, 102, 7),
    ];
    for (i, o) in orders.iter().enumerate() {
        book.add_order_with_transaction_id(*o, i as u64);
        let buys = book.buy_levels();
        let sells = book.sell_levels();
        for (b, bo) in &buys {
            for (s, so) in &sells {
                if !bo.is_empty() && !so.is_empty() {
                    assert!(b < s);
                }
            }
        }
    }
}

#[test]
fn completed_orders_keep_their_earlier_entries() {
    let mut book = OrderBook::new();
    book.add_order_with_transaction_id(order(1, Side::Buy, 100, 1), 1);
    book.add_order_with_transaction_id(order(2, Side::Sell, 100, 1), 2);
    let before = book.completed_orders().clone();
    book.add_order_with_transaction_id(order(3, Side::Sell, 90, 0), 3);
    let after = book.completed_orders();
    assert_eq!(&after[..before.len()], &before[..]);
    assert_eq!(ids(after), vec![1, 2, 3]);
}

#[test]
fn fills_stay_within_the_limit_price() {
    let mut book = OrderBook::new();
    book.add_order_with_transaction_id(order(1, Side::Buy, 98, 1), 1);
    book.add_order_with_transaction_id(order(2, Side::Buy, 101, 1), 2);
    book.add_order_with_transaction_id(order(3, Side::Sell, 100, 5), 3);
    // only the buy at 101 is met; the one at 98 stays
    assert_eq!(ids(book.completed_orders()), vec![2]);
    assert_eq!(level_summary(&book.buy_levels()), vec![(98, vec![(1, 1)])]);
    assert_eq!(level_summary(&book.sell_levels()), vec![(100, vec![(3, 4)])]);
}

#[test]
fn oldest_order_at_a_price_is_filled_first() {
    let mut book = OrderBook::new();
    book.add_order_with_transaction_id(order(1, Side::Sell, 100, 1), 1);
    book.add_order_with_transaction_id(order(2, Side::Sell, 100, 1), 2);
    book.add_order_with_transaction_id(order(3, Side::Sell, 100, 1), 3);
    book.add_order_with_transaction_id(order(4, Side::Buy, 100, 1), 4);
    assert_eq!(ids(book.completed_orders()), vec![1, 4]);
    assert_eq!(level_summary(&book.sell_levels()), vec![(100, vec![(2, 1), (3, 1)])]);
}

#[test]
fn no_quantity_is_lost_or_made_up() {
    let mut book = OrderBook::new();
    let orders = [
        order(1, Side::Buy, 100, 5),
        order(2, Side::Buy, 101, 3),
        order(3, Side::Sell, 100, 6),
        order(4, Side::Sell, 102, 4),
        order(5, Side::Buy, 103, 2),
    ];
    // units traded after each order: each unit traded leaves both sides
    let traded: [u64; 5] = [0, 0, 6, 6, 8];
    let mut added: u64 = 0;
    for (i, o) in orders.iter().enumerate() {
        book.add_order_with_transaction_id(*o, i as u64);
        added += o.quantity;
        let resting: u64 = book
            .buy_levels()
            .iter()
            .chain(book.sell_levels().iter())
            .flat_map(|(_, os)| os.iter().map(|r| r.quantity))
            .sum();
        let completed: u64 = book.completed_orders().iter().map(|c| c.quantity).sum();
        assert_eq!(resting + 2 * traded[i], added);
        assert!(completed <= 2 * traded[i]);
    }
}

#[test]
fn resting_orders_are_ones_that_were_added() {
    let mut book = OrderBook::new();
    let orders = [
        order(1, Side::Buy, 100, 5),
        order(2, Side::Sell, 103, 4),
        order(3, Side::Buy, 104, 2),
        order(4, Side::Sell, 99, 10),
        order(5, Side::Buy, 101, 1),
    ];
    for (i, o) in orders.iter().enumerate() {
        book.add_order_with_transaction_id(*o, i as u64);
    }
    for (price, resting) in book.buy_levels().iter().chain(book.sell_levels().iter()) {
        for r in resting {
            assert_eq!(r.price, *price);
            assert!(orders
                .iter()
                .any(|o| o.order_id == r.order_id && o.side == r.side && o.price == r.price && r.quantity <= o.quantity));
        }
    }
}

#[test]
fn levels_stay_nonempty_and_hold_their_own_orders() {
    let mut book = OrderBook::new();
    let orders = [
        order(1, Side::Buy, 100, 5),
        order(2, Side::Buy, 101, 3),
        order(3, Side::Sell, 100, 6),
        order(4, Side::Sell, 102, 4),
        order(5, Side::Buy, 103, 2),
        order(6, Side::Sell, 99, 1),
    ];
    for (i, o) in orders.iter().enumerate() {
        book.add_order_with_transaction_id(*o, i as u64);
        for (price, level) in book.buy_levels() {
            assert!(!level.is_empty());
            assert!(level.iter().all(|r| r.side == Side::Buy && r.price == price && r.quantity > 0));
        }
        for (price, level) in book.sell_levels() {
            assert!(!level.is_empty());
            assert!(level.iter().all(|r| r.side == Side::Sell && r.price == price && r.quantity > 0));
        }
    }
}

#[test]
fn survivors_of_a_level_keep_their_order() {
    let mut book = OrderBook::new();
    book.add_order_with_transaction_id(order(1, Side::Sell, 100, 2), 1);
    book.add_order_with_transaction_id(order(2, Side::Sell, 100, 3), 2);
    book.add_order_with_transaction_id(order(3, Side::Sell, 100, 4), 3);
    book.add_order_with_transaction_id(order(4, Side::Sell, 100, 5), 4);
    book.add_order_with_transaction_id(order(5, Side::Buy, 100, 4), 5);
    assert_eq!(level_summary(&book.sell_levels()), vec![(100, vec![(2, 1), (3, 4), (4, 5)])]);
    assert_eq!(ids(book.completed_orders()), vec![1, 5]);
}

#[test]
fn a_filled_order_rests_nowhere() {
    let mut book = OrderBook::new();
    book.add_order_with_transaction_id(order(1, Side::Buy, 100, 3), 1);
    book.add_order_with_transaction_id(order(2, Side::Sell, 100, 3), 2);
    let all = book.buy_levels().into_iter().chain(book.sell_levels().into_iter());
    for (_, level) in all {
        assert!(level.iter().all(|r| r.order_id != 2 && r.order_id != 1));
    }
    assert_eq!(ids(book.completed_orders()), vec![1, 2]);
}
