use lib::matching::MatchingEngine;
use lib::types::{Order, OrderId, OrderType, Price, Qty, Side, Trade};

fn limit(id: u64, side: Side, price: u64, qty: u64) -> Order {
    Order { id: OrderId(id), side, price: Price(price), qty: Qty(qty), order_type: OrderType::Limit }
}

fn market(id: u64, side: Side, qty: u64) -> Order {
    Order { id: OrderId(id), side, price: Price(0), qty: Qty(qty), order_type: OrderType::Market }
}

fn trade(buy: u64, sell: u64, price: u64, qty: u64) -> Trade {
    Trade { buy: OrderId(buy), sell: OrderId(sell), price: Price(price), qty: Qty(qty) }
}

fn level(e: &MatchingEngine, side: Side, price: u64) -> Vec<(u64, u64)> {
    e.level(side, Price(price)).iter().map(|(id, q)| (id.0, q.0)).collect()
}

#[test]
fn new_engine_is_empty() {
    let e = MatchingEngine::new();
    assert_eq!(e.best_price(Side::Buy), None);
    assert_eq!(e.best_price(Side::Sell), None);
    assert!(!e.is_resting(OrderId(1)));
    assert_eq!(e.stored_order(OrderId(1)), None);
}

#[test]
fn limit_order_on_empty_book_rests() {
    let mut e = MatchingEngine::new();
    let trades = e.process(limit(1, Side::Buy, 100, 10));
    assert!(trades.is_empty());
    assert!(e.is_resting(OrderId(1)));
    assert_eq!(e.best_price(Side::Buy), Some(Price(100)));
    assert_eq!(e.best_price(Side::Sell), None);
    assert_eq!(level(&e, Side::Buy, 100), vec![(1, 10)]);
    assert_eq!(e.stored_order(OrderId(1)), Some(limit(1, Side::Buy, 100, 10)));
}

#[test]
fn crossing_limit_buy_trades_at_resting_price() {
    let mut e = MatchingEngine::new();
    e.process(limit(1, Side::Sell, 100, 10));
    let trades = e.process(limit(2, Side::Buy, 105, 4));
    assert_eq!(trades, vec![trade(2, 1, 100, 4)]);
    assert_eq!(level(&e, Side::Sell, 100), vec![(1, 6)]);
    assert!(!e.is_resting(OrderId(2)));
    assert_eq!(e.best_price(Side::Buy), None);
}

#[test]
fn crossing_limit_sell_trades_at_resting_price() {
    let mut e = MatchingEngine::new();
    e.process(limit(1, Side::Buy, 100, 10));
    let trades = e.process(limit(2, Side::Sell, 95, 10));
    assert_eq!(trades, vec![trade(1, 2, 100, 10)]);
    assert_eq!(e.best_price(Side::Buy), None);
    assert_eq!(e.best_price(Side::Sell), None);
    assert!(!e.is_resting(OrderId(1)));
    assert!(!e.is_resting(OrderId(2)));
}

#[test]
fn buy_takes_lowest_asks_first() {
    let mut e = MatchingEngine::new();
    e.process(limit(1, Side::Sell, 103, 5));
    e.process(limit(2, Side::Sell, 101, 5));
    e.process(limit(3, Side::Sell, 102, 5));
    let trades = e.process(limit(4, Side::Buy, 103, 12));
    assert_eq!(trades, vec![trade(4, 2, 101, 5), trade(4, 3, 102, 5), trade(4, 1, 103, 2)]);
    assert_eq!(e.best_price(Side::Sell), Some(Price(103)));
    assert_eq!(level(&e, Side::Sell, 103), vec![(1, 3)]);
    assert_eq!(level(&e, Side::Sell, 101), vec![]);
}

#[test]
fn sell_takes_highest_bids_first() {
    let mut e = MatchingEngine::new();
    e.process(limit(1, Side::Buy, 98, 5));
    e.process(limit(2, Side::Buy, 100, 5));
    e.process(limit(3, Side::Buy, 99, 5));
    let trades = e.process(market(4, Side::Sell, 7));
    assert_eq!(trades, vec![trade(2, 4, 100, 5), trade(3, 4, 99, 2)]);
    assert_eq!(e.best_price(Side::Buy), Some(Price(99)));
    assert_eq!(level(&e, Side::Buy, 99), vec![(3, 3)]);
}

#[test]
fn same_price_fills_oldest_first() {
    let mut e = MatchingEngine::new();
    e.process(limit(1, Side::Sell, 100, 3));
    e.process(limit(2, Side::Sell, 100, 3));
    e.process(limit(3, Side::Sell, 100, 3));
    assert_eq!(level(&e, Side::Sell, 100), vec![(1, 3), (2, 3), (3, 3)]);
    let trades = e.process(limit(4, Side::Buy, 100, 5));
    assert_eq!(trades, vec![trade(4, 1, 100, 3), trade(4, 2, 100, 2)]);
    assert_eq!(level(&e, Side::Sell, 100), vec![(2, 1), (3, 3)]);
    assert!(!e.is_resting(OrderId(1)));
    assert!(e.is_resting(OrderId(2)));
}

#[test]
fn limit_order_does_not_trade_through_its_price() {
    let mut e = MatchingEngine::new();
    e.process(limit(1, Side::Sell, 100, 5));
    e.process(limit(2, Side::Sell, 101, 5));
    let trades = e.process(limit(3, Side::Buy, 100, 8));
    assert_eq!(trades, vec![trade(3, 1, 100, 5)]);
    // the rest of the buy order rests at its own price, below the remaining ask
    assert_eq!(level(&e, Side::Buy, 100), vec![(3, 3)]);
    assert_eq!(e.best_price(Side::Buy), Some(Price(100)));
    assert_eq!(e.best_price(Side::Sell), Some(Price(101)));
    assert!(e.is_resting(OrderId(3)));
}

#[test]
fn non_crossing_limit_order_only_rests() {
    let mut e = MatchingEngine::new();
    e.process(limit(1, Side::Sell, 105, 5));
    let trades = e.process(limit(2, Side::Buy, 100, 5));
    assert!(trades.is_empty());
    assert_eq!(e.best_price(Side::Buy), Some(Price(100)));
    assert_eq!(e.best_price(Side::Sell), Some(Price(105)));
}

#[test]
fn market_order_sweeps_and_drops_the_rest() {
    let mut e = MatchingEngine::new();
    e.process(limit(1, Side::Sell, 100, 2));
    e.process(limit(2, Side::Sell, 110, 2));
    let trades = e.process(market(3, Side::Buy, 10));
    assert_eq!(trades, vec![trade(3, 1, 100, 2), trade(3, 2, 110, 2)]);
    assert_eq!(e.best_price(Side::Sell), None);
    assert_eq!(e.best_price(Side::Buy), None);
    assert!(!e.is_resting(OrderId(3)));
}

#[test]
fn market_order_on_empty_book_trades_nothing() {
    let mut e = MatchingEngine::new();
    let trades = e.process(market(1, Side::Buy, 10));
    assert!(trades.is_empty());
    assert_eq!(e.best_price(Side::Buy), None);
    assert_eq!(e.stored_order(OrderId(1)), Some(market(1, Side::Buy, 10)));
}

#[test]
fn process_market_does_not_record_the_order() {
    let mut e = MatchingEngine::new();
    e.process(limit(1, Side::Buy, 100, 4));
    let trades = e.process_market(market(2, Side::Sell, 1));
    assert_eq!(trades, vec![trade(1, 2, 100, 1)]);
    assert_eq!(e.stored_order(OrderId(2)), None);
    assert_eq!(level(&e, Side::Buy, 100), vec![(1, 3)]);
}

#[test]
fn zero_quantity_orders_do_nothing() {
    let mut e = MatchingEngine::new();
    e.process(limit(1, Side::Sell, 100, 5));
    assert!(e.process(limit(2, Side::Buy, 100, 0)).is_empty());
    assert!(e.process(market(3, Side::Buy, 0)).is_empty());
    assert!(!e.is_resting(OrderId(2)));
    assert_eq!(level(&e, Side::Sell, 100), vec![(1, 5)]);
}

#[test]
fn cancel_removes_a_resting_order_once() {
    let mut e = MatchingEngine::new();
    e.process(limit(1, Side::Buy, 100, 5));
    assert!(e.cancel(OrderId(1)));
    assert!(!e.is_resting(OrderId(1)));
    assert_eq!(e.best_price(Side::Buy), None);
    assert!(!e.cancel(OrderId(1)));
}

#[test]
fn cancel_of_unknown_order_is_refused() {
    let mut e = MatchingEngine::new();
    e.process(limit(1, Side::Buy, 100, 5));
    assert!(!e.cancel(OrderId(7)));
    assert_eq!(level(&e, Side::Buy, 100), vec![(1, 5)]);
}

#[test]
fn cancel_in_the_middle_keeps_queue_order() {
    let mut e = MatchingEngine::new();
    e.process(limit(1, Side::Sell, 100, 1));
    e.process(limit(2, Side::Sell, 100, 2));
    e.process(limit(3, Side::Sell, 100, 3));
    assert!(e.cancel(OrderId(2)));
    assert_eq!(level(&e, Side::Sell, 100), vec![(1, 1), (3, 3)]);
    assert!(e.cancel(OrderId(1)));
    assert_eq!(level(&e, Side::Sell, 100), vec![(3, 3)]);
    assert!(e.cancel(OrderId(3)));
    assert_eq!(level(&e, Side::Sell, 100), vec![]);
    assert_eq!(e.best_price(Side::Sell), None);
}

#[test]
fn cancel_of_the_last_order_keeps_other_levels() {
    let mut e = MatchingEngine::new();
    e.process(limit(1, Side::Buy, 99, 1));
    e.process(limit(2, Side::Buy, 100, 1));
    assert!(e.cancel(OrderId(2)));
    assert_eq!(e.best_price(Side::Buy), Some(Price(99)));
}

#[test]
fn filled_order_cannot_be_cancelled() {
    let mut e = MatchingEngine::new();
    e.process(limit(1, Side::Sell, 100, 5));
    e.process(limit(2, Side::Buy, 100, 5));
    assert!(!e.cancel(OrderId(1)));
    assert!(!e.cancel(OrderId(2)));
}

#[test]
fn partially_filled_order_can_be_cancelled() {
    let mut e = MatchingEngine::new();
    e.process(limit(1, Side::Sell, 100, 5));
    e.process(limit(2, Side::Buy, 100, 3));
    assert_eq!(level(&e, Side::Sell, 100), vec![(1, 2)]);
    assert!(e.cancel(OrderId(1)));
    assert_eq!(e.best_price(Side::Sell), None);
}

#[test]
fn cancel_then_new_order_reuses_nothing_visible() {
    let mut e = MatchingEngine::new();
    e.process(limit(1, Side::Sell, 100, 5));
    e.process(limit(2, Side::Sell, 100, 6));
    assert!(e.cancel(OrderId(1)));
    e.process(limit(3, Side::Sell, 100, 7));
    assert_eq!(level(&e, Side::Sell, 100), vec![(2, 6), (3, 7)]);
    let trades = e.process(market(4, Side::Buy, 13));
    assert_eq!(trades, vec![trade(4, 2, 100, 6), trade(4, 3, 100, 7)]);
}

#[test]
fn traded_and_left_add_up() {
    let mut e = MatchingEngine::new();
    e.process(limit(1, Side::Sell, 100, 4));
    e.process(limit(2, Side::Sell, 101, 4));
    e.process(limit(3, Side::Sell, 102, 4));
    let trades = e.process(limit(4, Side::Buy, 101, 11));
    let traded: u64 = trades.iter().map(|t| t.qty.0).sum();
    let rested: u64 = level(&e, Side::Buy, 101).iter().map(|(_, q)| *q).sum();
    assert_eq!(traded, 8);
    assert_eq!(traded + rested, 11);
    for t in &trades {
        assert_eq!(t.buy, OrderId(4));
        assert!(t.price.0 <= 101);
        assert!(t.qty.0 > 0);
    }
}

#[test]
fn book_stays_uncrossed_after_limit_orders() {
    let mut e = MatchingEngine::new();
    e.process(limit(1, Side::Sell, 101, 3));
    e.process(limit(2, Side::Buy, 99, 3));
    e.process(limit(3, Side::Buy, 102, 5));
    e.process(limit(4, Side::Sell, 98, 1));
    let bid = e.best_price(Side::Buy).unwrap();
    assert_eq!(bid, Price(102));
    assert_eq!(level(&e, Side::Buy, 102), vec![(3, 1)]);
    assert_eq!(e.best_price(Side::Sell), None);
    e.process(limit(5, Side::Sell, 103, 2));
    assert!(e.best_price(Side::Buy).unwrap().0 < e.best_price(Side::Sell).unwrap().0);
}

#[test]
fn cancel_right_after_rest_restores_the_book() {
    let mut e = MatchingEngine::new();
    e.process(limit(1, Side::Buy, 100, 2));
    e.process(limit(2, Side::Buy, 101, 2));
    e.process(limit(3, Side::Buy, 100, 4));
    assert!(e.cancel(OrderId(3)));
    assert_eq!(level(&e, Side::Buy, 100), vec![(1, 2)]);
    assert_eq!(level(&e, Side::Buy, 101), vec![(2, 2)]);
    assert_eq!(e.best_price(Side::Buy), Some(Price(101)));
}

#[test]
fn reused_id_is_recorded_with_its_latest_order() {
    let mut e = MatchingEngine::new();
    e.process(limit(1, Side::Buy, 100, 2));
    e.process(limit(1, Side::Buy, 99, 3));
    assert_eq!(e.stored_order(OrderId(1)), Some(limit(1, Side::Buy, 99, 3)));
    // the index points at the latest order with the id
    assert!(e.cancel(OrderId(1)));
    assert_eq!(level(&e, Side::Buy, 99), vec![]);
    assert_eq!(level(&e, Side::Buy, 100), vec![(1, 2)]);
}

#[test]
fn trades_list_is_in_execution_order_for_sells() {
    let mut e = MatchingEngine::new();
    e.process(limit(10, Side::Buy, 50, 1));
    e.process(limit(11, Side::Buy, 50, 1));
    e.process(limit(12, Side::Buy, 49, 1));
    let trades = e.process(limit(13, Side::Sell, 49, 3));
    assert_eq!(trades, vec![trade(10, 13, 50, 1), trade(11, 13, 50, 1), trade(12, 13, 49, 1)]);
    assert_eq!(e.best_price(Side::Buy), None);
    assert_eq!(e.best_price(Side::Sell), None);
}

#[test]
fn every_resting_order_with_a_fresh_id_can_be_cancelled() {
    let mut e = MatchingEngine::new();
    e.process(limit(1, Side::Sell, 101, 4));
    e.process(limit(2, Side::Sell, 102, 4));
    e.process(limit(3, Side::Buy, 99, 4));
    e.process(limit(4, Side::Buy, 101, 6));
    // 1 was filled, 4 rests with 2 left at 101
    assert_eq!(level(&e, Side::Buy, 101), vec![(4, 2)]);
    for id in [2u64, 3, 4] {
        assert!(e.is_resting(OrderId(id)));
        assert!(e.cancel(OrderId(id)));
    }
    assert!(!e.is_resting(OrderId(1)));
    assert_eq!(e.best_price(Side::Buy), None);
    assert_eq!(e.best_price(Side::Sell), None);
}
